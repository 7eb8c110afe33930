//! The coordinator: what is read out of the document for the stylesheet and
//! for the guest, and the way from the document to what the display shows.

use crate::css::{parse_stylesheet, RuleView, Stylesheet};
use crate::dom::{
    find_id, graft, lemma_find_id_leads_to_id, lemma_trees_of, markup_of_all, path_of, subtree,
    text_of_all, trees_of, Node, NodeKind, NodeType, Tree,
};
use crate::error::ParseError;
use crate::html::{parse_fragment, parse_raw};
use crate::javascript::binding::{released_below, strictly_below, NodeTable};
use crate::layout::{box_of, to_layout_box};
use crate::render::{container_of, to_element_container, ContainerTree, ElementContainer};
use crate::style::{styled, to_styled_node};
use vstd::prelude::*;

verus! {

/// The rules that every document starts with. They stand before the
/// document's own.
pub const DEFAULT_STYLESHEET: &'static str =
    "\nscript, style {\n    display: none;\n}\np, div {\n    display: block;\n}\n";

/// The texts of the elements with the given tag, in document order. An
/// element with the tag gives its whole text; what is inside it is not
/// searched again.
pub open spec fn tag_inners(tree: Tree, tag: Seq<char>) -> Seq<Seq<char>>
    decreases tree,
{
    if tree.kind matches NodeKind::Element { tag_name, .. } && tag_name == tag {
        seq![text_of_all(tree.children)]
    } else {
        tag_inners_all(tree.children, tag)
    }
}

/// The texts of the elements with the given tag in the trees of the list.
pub open spec fn tag_inners_all(trees: Seq<Tree>, tag: Seq<char>) -> Seq<Seq<char>>
    decreases trees,
{
    if trees.len() == 0 {
        Seq::empty()
    } else {
        tag_inners_all(trees.drop_last(), tag) + tag_inners(trees.last(), tag)
    }
}

/// The strings as plain sequences of characters.
pub open spec fn texts_of(strings: Seq<String>) -> Seq<Seq<char>> {
    strings.map_values(|s: String| s@)
}

/// The parts with the separator between every two of them.
pub open spec fn joined(parts: Seq<Seq<char>>, separator: Seq<char>) -> Seq<char>
    decreases parts.len(),
{
    if parts.len() == 0 {
        Seq::empty()
    } else if parts.len() == 1 {
        parts[0]
    } else {
        joined(parts.drop_last(), separator) + separator + parts.last()
    }
}

/// The text that the stylesheet is read from: the default rules, a line feed,
/// and the texts of the document's `style` elements with a line feed between
/// two of them.
pub open spec fn stylesheet_text(tree: Tree) -> Seq<char> {
    DEFAULT_STYLESHEET@ + "\n"@ + joined(tag_inners(tree, "style"@), "\n"@)
}

/// The text that is handed to the guest once, at load: the texts of the
/// document's `script` elements with a line feed between two of them.
pub open spec fn script_text(tree: Tree) -> Seq<char> {
    joined(tag_inners(tree, "script"@), "\n"@)
}

/// What the display shows of a document under the rules, or nothing where
/// the document's root has the display `none`.
pub open spec fn display_tree(tree: Tree, rules: Seq<RuleView>) -> Option<ContainerTree> {
    match styled(tree, rules) {
        Some(s) => Some(container_of(box_of(s))),
        None => None,
    }
}

/// Appends to `out` the texts of the elements with the given tag in the node
/// and below it.
fn collect_into(node: &Box<Node>, tag_name: &String, out: &mut Vec<String>)
    ensures
        texts_of(final(out)@) == texts_of(old(out)@) + tag_inners(node@, tag_name@),
    decreases node,
{
    let ghost start = texts_of(out@);
    let is_tag = match &node.node_type {
        NodeType::Element(element) => element.tag_name == *tag_name,
        NodeType::Text(_) => false,
    };
    if is_tag {
        let text = node.inner_text();
        out.push(text);
        assert(texts_of(out@) =~= start + seq![text@]);
        return ;
    }
    let ghost trees = node@.children;
    proof {
        lemma_trees_of(node.children@);
        assert(trees.take(0) =~= Seq::<Tree>::empty());
        assert(start + Seq::<Seq<char>>::empty() =~= start);
    }
    let mut i: usize = 0;
    while i < node.children.len()
        invariant
            i <= node.children.len(),
            trees == node@.children,
            trees.len() == node.children.len(),
            forall|j: int| 0 <= j < trees.len() ==> (#[trigger] trees[j]) == node.children@[j]@,
            texts_of(out@) == start + tag_inners_all(trees.take(i as int), tag_name@),
        decreases node.children.len() - i,
    {
        let ghost before = tag_inners_all(trees.take(i as int), tag_name@);
        proof {
            let next = trees.take(i + 1);
            assert(next.drop_last() =~= trees.take(i as int));
            assert(next.last() == trees[i as int]);
        }
        collect_into(&node.children[i], tag_name, out);
        proof {
            assert(start + before + tag_inners(trees[i as int], tag_name@) =~= start + (before
                + tag_inners(trees[i as int], tag_name@)));
        }
        i += 1;
    }
    proof {
        assert(trees.take(i as int) =~= trees);
    }
}

/// The texts of the elements with the given tag, in document order.
pub fn collect_tag_inners(node: &Box<Node>, tag_name: &str) -> (inners: Vec<String>)
    ensures
        texts_of(inners@) == tag_inners(node@, tag_name@),
{
    let tag = String::from_str(tag_name);
    let mut inners: Vec<String> = Vec::new();
    collect_into(node, &tag, &mut inners);
    assert(texts_of(Seq::<String>::empty()) + tag_inners(node@, tag_name@) =~= tag_inners(
        node@,
        tag_name@,
    ));
    inners
}

/// The parts with the separator between every two of them.
pub fn join(parts: &Vec<String>, separator: &str) -> (text: String)
    ensures
        text@ == joined(texts_of(parts@), separator@),
{
    let mut text = String::new();
    let ghost all = texts_of(parts@);
    let mut i: usize = 0;
    while i < parts.len()
        invariant
            i <= parts.len(),
            all == texts_of(parts@),
            text@ == joined(all.take(i as int), separator@),
        decreases parts.len() - i,
    {
        proof {
            let next = all.take(i + 1);
            assert(next.drop_last() =~= all.take(i as int));
            assert(next.last() == parts@[i as int]@);
            assert(next[0] == all[0]);
        }
        if i > 0 {
            text.append(separator);
        }
        text.append(parts[i].as_str());
        i += 1;
    }
    proof {
        assert(all.take(i as int) =~= all);
    }
    text
}

/// The text that the document's stylesheet is read from.
pub fn stylesheet_source(document: &Box<Node>) -> (text: String)
    ensures
        text@ == stylesheet_text(document@),
{
    let inners = collect_tag_inners(document, "style");
    let own = join(&inners, "\n");
    let mut text = String::from_str(DEFAULT_STYLESHEET);
    text.append("\n");
    text.append(own.as_str());
    text
}

/// The text of the document's scripts.
pub fn inline_scripts(document: &Box<Node>) -> (text: String)
    ensures
        text@ == script_text(document@),
{
    let inners = collect_tag_inners(document, "script");
    join(&inners, "\n")
}

/// What the display shows of the document under the stylesheet, or nothing
/// where the document's root has the display `none`.
pub fn render(document: &Box<Node>, stylesheet: &Stylesheet) -> (shown: Option<ElementContainer>)
    ensures
        match shown {
            Some(container) => display_tree(document@, stylesheet@) == Some(container@),
            None => display_tree(document@, stylesheet@) is None,
        },
{
    match to_styled_node(document, stylesheet) {
        Some(styled_node) => Some(to_element_container(to_layout_box(styled_node))),
        None => None,
    }
}

/// Why nothing can be shown.
#[derive(Debug, PartialEq, Eq, Clone, Copy)]
pub enum RenderError {
    /// The document's root has the display `none`.
    RootHidden,
    /// The text of the document's stylesheet is no stylesheet.
    MalformedStylesheet,
}

/// What the display shows of a document under its own stylesheet: the default
/// rules and the document's `style` elements.
pub open spec fn presentation(tree: Tree) -> Result<ContainerTree, RenderError> {
    match parse_stylesheet(stylesheet_text(tree)) {
        Some(rules) => match display_tree(tree, rules) {
            Some(shown) => Ok(shown),
            None => Err(RenderError::RootHidden),
        },
        None => Err(RenderError::MalformedStylesheet),
    }
}

/// What the display shows of the document under its own stylesheet.
pub fn present(document: &Box<Node>) -> (r: Result<ElementContainer, RenderError>)
    ensures
        match r {
            Ok(shown) => presentation(document@) == Ok::<ContainerTree, RenderError>(shown@),
            Err(e) => presentation(document@) == Err::<ContainerTree, RenderError>(e),
        },
{
    let source = stylesheet_source(document);
    match crate::css::parse(source.as_str()) {
        Ok(stylesheet) => match render(document, &stylesheet) {
            Some(shown) => Ok(shown),
            None => Err(RenderError::RootHidden),
        },
        Err(_) => Err(RenderError::MalformedStylesheet),
    }
}

/// Whether an element stands at `path` below `tree`.
pub open spec fn is_element_at(tree: Tree, path: Seq<int>) -> bool {
    subtree(tree, path) matches Some(node) && node.kind is Element
}

/// Every handle of the table that is not released leads to an element of the
/// tree.
pub open spec fn handles_lead_to_elements(handles: Seq<Option<Seq<int>>>, tree: Tree) -> bool {
    forall|h: int|
        0 <= h < handles.len() && (#[trigger] handles[h]) is Some ==> is_element_at(
            tree,
            handles[h].unwrap(),
        )
}

/// `tree` with the children of the node at `path` replaced.
pub open spec fn with_children_at(tree: Tree, path: Seq<int>, children: Seq<Tree>) -> Tree {
    graft(tree, path, Tree { kind: subtree(tree, path).unwrap().kind, children })
}

/// Replacing a subtree by one of the same kind leaves an element at every
/// place where one stood, but for the places strictly below the subtree's
/// own.
pub proof fn lemma_graft_keeps_elements(tree: Tree, path: Seq<int>, sub: Tree, place: Seq<int>)
    requires
        subtree(tree, path) is Some,
        sub.kind == subtree(tree, path).unwrap().kind,
        is_element_at(tree, place),
        !strictly_below(place, path),
    ensures
        is_element_at(graft(tree, path, sub), place),
    decreases path.len(),
{
    if path.len() == 0 {
        if place.len() > 0 {
            assert(place.take(0) =~= path);
        }
    } else if place.len() > 0 && place[0] == path[0] {
        let child = tree.children[path[0]];
        if strictly_below(place.skip(1), path.skip(1)) {
            assert(place.take(path.len() as int) =~= path) by {
                assert(place.skip(1).take(path.skip(1).len() as int) == path.skip(1));
                assert forall|i: int| 0 <= i < path.len() implies place.take(
                    path.len() as int,
                )[i] == path[i] by {
                    if i > 0 {
                        assert(place.skip(1).take(path.skip(1).len() as int)[i - 1] == path.skip(
                            1,
                        )[i - 1]);
                    }
                }
            }
        }
        lemma_graft_keeps_elements(child, path.skip(1), sub, place.skip(1));
    }
}

/// The coordinator of one document. It holds the document, the table behind
/// the guest's handles, and what the display shows. A change of the document
/// marks what is shown as stale until it is rendered again.
#[derive(Debug)]
pub struct Renderer {
    document: Box<Node>,
    table: NodeTable,
    shown: ElementContainer,
    stale: bool,
    scripts_pending: bool,
}

impl Renderer {
    /// The document as it is now.
    pub closed spec fn tree(&self) -> Tree {
        self.document@
    }

    /// For each handle given out so far, the place of its element, or nothing
    /// once the handle is released.
    pub closed spec fn handles(&self) -> Seq<Option<Seq<int>>> {
        self.table@
    }

    /// What is handed to the display.
    pub closed spec fn shown_tree(&self) -> ContainerTree {
        self.shown@
    }

    /// Whether the document has changed since it was last rendered.
    pub closed spec fn is_stale(&self) -> bool {
        self.stale
    }

    /// Whether the document's scripts are still to be handed to the guest.
    pub closed spec fn has_scripts_pending(&self) -> bool {
        self.scripts_pending
    }

    #[verifier::type_invariant]
    spec fn consistent(&self) -> bool {
        &&& handles_lead_to_elements(self.table@, self.document@)
        &&& !self.stale ==> presentation(self.document@) == Ok::<ContainerTree, RenderError>(
            self.shown@,
        )
    }

    /// Loads the document: renders it under its own stylesheet, with no
    /// handle given out. Fails where the stylesheet is malformed or the
    /// document's root has the display `none`.
    pub fn new(document: Box<Node>) -> (r: Result<Renderer, RenderError>)
        ensures
            match r {
                Ok(renderer) => {
                    &&& renderer.tree() == document@
                    &&& renderer.handles() == Seq::<Option<Seq<int>>>::empty()
                    &&& !renderer.is_stale()
                    &&& renderer.has_scripts_pending()
                    &&& presentation(document@) == Ok::<ContainerTree, RenderError>(
                        renderer.shown_tree(),
                    )
                },
                Err(e) => presentation(document@) == Err::<ContainerTree, RenderError>(e),
            },
    {
        match present(&document) {
            Ok(shown) => Ok(
                Renderer {
                    document,
                    table: NodeTable::new(),
                    shown,
                    stale: false,
                    scripts_pending: true,
                },
            ),
            Err(e) => Err(e),
        }
    }

    /// Renders the document again. The document and the handles stay as they
    /// are. Where that fails, what is shown stays as it was.
    pub fn rerender(&mut self) -> (r: Result<(), RenderError>)
        ensures
            final(self).tree() == old(self).tree(),
            final(self).handles() == old(self).handles(),
            final(self).has_scripts_pending() == old(self).has_scripts_pending(),
            match r {
                Ok(_) => {
                    &&& !final(self).is_stale()
                    &&& presentation(old(self).tree()) == Ok::<ContainerTree, RenderError>(
                        final(self).shown_tree(),
                    )
                },
                Err(e) => {
                    &&& presentation(old(self).tree()) == Err::<ContainerTree, RenderError>(e)
                    &&& final(self).is_stale() == old(self).is_stale()
                    &&& final(self).shown_tree() == old(self).shown_tree()
                },
            },
    {
        proof {
            use_type_invariant(&*self);
        }
        match present(&self.document) {
            Ok(shown) => {
                self.stale = true;
                self.shown = shown;
                self.stale = false;
                Ok(())
            },
            Err(e) => Err(e),
        }
    }

    /// The document.
    pub fn document(&self) -> (document: &Box<Node>)
        ensures
            document@ == self.tree(),
    {
        &self.document
    }

    /// What is handed to the display. Unless the renderer is stale, it is
    /// what the document as it is now gives; and at any time, every handle
    /// that is not released leads to an element of the document.
    pub fn view(&self) -> (shown: &ElementContainer)
        ensures
            shown@ == self.shown_tree(),
            !self.is_stale() ==> presentation(self.tree()) == Ok::<ContainerTree, RenderError>(
                shown@,
            ),
            handles_lead_to_elements(self.handles(), self.tree()),
    {
        proof {
            use_type_invariant(self);
        }
        &self.shown
    }

    /// Tells whether the document has changed since it was last rendered.
    pub fn needs_rerender(&self) -> (stale: bool)
        ensures
            stale == self.is_stale(),
    {
        self.stale
    }

    /// The text that the document's stylesheet is read from.
    pub fn stylesheet_source(&self) -> (text: String)
        ensures
            text@ == stylesheet_text(self.tree()),
    {
        stylesheet_source(&self.document)
    }

    /// The text of the document's scripts, for the guest to run: the first
    /// time it is asked for, and never again. A later change of the document
    /// brings no script to the guest.
    pub fn take_inline_scripts(&mut self) -> (text: Option<String>)
        ensures
            final(self).tree() == old(self).tree(),
            final(self).handles() == old(self).handles(),
            final(self).shown_tree() == old(self).shown_tree(),
            final(self).is_stale() == old(self).is_stale(),
            !final(self).has_scripts_pending(),
            match text {
                Some(scripts) => old(self).has_scripts_pending() && scripts@ == script_text(
                    old(self).tree(),
                ),
                None => !old(self).has_scripts_pending(),
            },
    {
        proof {
            use_type_invariant(&*self);
        }
        if self.scripts_pending {
            self.scripts_pending = false;
            Some(inline_scripts(&self.document))
        } else {
            None
        }
    }

    /// Looks the id up for the guest: a new handle for the first element in
    /// document order with that id, or nothing where there is none. Nothing
    /// else changes.
    pub fn get_element_by_id(&mut self, id: &str) -> (handle: Option<usize>)
        ensures
            final(self).tree() == old(self).tree(),
            final(self).shown_tree() == old(self).shown_tree(),
            final(self).is_stale() == old(self).is_stale(),
            final(self).has_scripts_pending() == old(self).has_scripts_pending(),
            match find_id(old(self).tree(), id@) {
                Some(path) => handle == Some(old(self).handles().len() as usize)
                    && final(self).handles() == old(self).handles().push(Some(path)),
                None => handle is None && final(self).handles() == old(self).handles(),
            },
    {
        proof {
            use_type_invariant(&*self);
        }
        match self.document.find_path(id) {
            Some(path) => {
                proof {
                    lemma_find_id_leads_to_id(self.document@, id@);
                }
                let mut table = NodeTable::new();
                core::mem::swap(&mut self.table, &mut table);
                let handle = table.bind(path);
                core::mem::swap(&mut self.table, &mut table);
                Some(handle)
            },
            None => None,
        }
    }

    /// The element that the handle stands for.
    fn element(&self, handle: usize) -> (r: Option<&Node>)
        ensures
            match r {
                Some(node) => {
                    &&& handle < self.handles().len()
                    &&& self.handles()[handle as int] matches Some(path)
                    &&& subtree(self.tree(), path) == Some(node@)
                    &&& node@.kind is Element
                },
                None => handle >= self.handles().len() || self.handles()[handle as int] is None,
            },
    {
        proof {
            use_type_invariant(self);
        }
        match self.table.resolve(handle) {
            Some(path) => self.document.get(path),
            None => None,
        }
    }

    /// The tag name of the element that the handle stands for, or nothing
    /// where the handle was never given out or is released.
    pub fn tag_name(&self, handle: usize) -> (name: Option<String>)
        ensures
            match name {
                Some(tag) => {
                    &&& handle < self.handles().len()
                    &&& self.handles()[handle as int] matches Some(path)
                    &&& subtree(self.tree(), path) matches Some(node)
                    &&& node.kind matches NodeKind::Element { tag_name, .. }
                    &&& tag@ == tag_name
                },
                None => handle >= self.handles().len() || self.handles()[handle as int] is None,
            },
    {
        match self.element(handle) {
            Some(node) => match &node.node_type {
                NodeType::Element(element) => Some(element.tag_name.clone()),
                NodeType::Text(_) => None,
            },
            None => None,
        }
    }

    /// The markup of the children of the element that the handle stands for,
    /// or nothing where the handle was never given out or is released.
    pub fn inner_html(&self, handle: usize) -> (html: Option<String>)
        ensures
            match html {
                Some(text) => {
                    &&& handle < self.handles().len()
                    &&& self.handles()[handle as int] matches Some(path)
                    &&& subtree(self.tree(), path) matches Some(node)
                    &&& text@ == markup_of_all(node.children)
                },
                None => handle >= self.handles().len() || self.handles()[handle as int] is None,
            },
    {
        match self.element(handle) {
            Some(node) => Some(node.inner_html()),
            None => None,
        }
    }

    /// Writes the markup into the element that the handle stands for: its
    /// children are replaced by the nodes that the text is the markup of.
    /// Says whether the document changed: it does not where the handle was
    /// never given out or is released, and where the text is no markup,
    /// which is an error. After a change the rest of the document is as it
    /// was, the handles of the nodes that are gone are released, and the
    /// renderer is stale: it is to be rendered again, once.
    pub fn set_inner_html(&mut self, handle: usize, html: &str) -> (r: Result<bool, ParseError>)
        ensures
            final(self).shown_tree() == old(self).shown_tree(),
            final(self).has_scripts_pending() == old(self).has_scripts_pending(),
            match r {
                Ok(true) => {
                    &&& handle < old(self).handles().len()
                    &&& old(self).handles()[handle as int] matches Some(path)
                    &&& parse_fragment(html@) matches Some(children)
                    &&& final(self).tree() == with_children_at(old(self).tree(), path, children)
                    &&& final(self).handles() == released_below(old(self).handles(), path)
                    &&& final(self).is_stale()
                },
                Ok(false) => {
                    &&& handle >= old(self).handles().len() || old(self).handles()[handle as int]
                        is None
                    &&& final(self).tree() == old(self).tree()
                    &&& final(self).handles() == old(self).handles()
                    &&& final(self).is_stale() == old(self).is_stale()
                },
                Err(e) => {
                    &&& e == ParseError::Markup
                    &&& handle < old(self).handles().len()
                    &&& old(self).handles()[handle as int] is Some
                    &&& parse_fragment(html@) is None
                    &&& final(self).tree() == old(self).tree()
                    &&& final(self).handles() == old(self).handles()
                    &&& final(self).is_stale() == old(self).is_stale()
                },
            },
    {
        proof {
            use_type_invariant(&*self);
        }
        let path = match self.table.resolve(handle) {
            Some(path) => path.clone(),
            None => {
                return Ok(false);
            },
        };
        let nodes = match parse_raw(html) {
            Ok(nodes) => nodes,
            Err(e) => {
                return Err(e);
            },
        };
        let ghost place = path_of(path@);
        let ghost before = self.document@;
        let ghost handles = self.table@;
        let ghost sub = Tree { kind: subtree(before, place).unwrap().kind, children: trees_of(nodes@) };
        proof {
            assert(place == handles[handle as int].unwrap());
            assert forall|h: int|
                0 <= h < handles.len() && (#[trigger] released_below(handles, place)[h])
                    is Some implies is_element_at(
                graft(before, place, sub),
                released_below(handles, place)[h].unwrap(),
            ) by {
                assert(handles[h] is Some);
                lemma_graft_keeps_elements(before, place, sub, handles[h].unwrap());
            }
        }
        self.stale = true;
        let mut table = NodeTable::new();
        core::mem::swap(&mut self.table, &mut table);
        Node::replace_children_at(&mut self.document, &path, nodes);
        table.release_below(&path);
        core::mem::swap(&mut self.table, &mut table);
        Ok(true)
    }
}

} // verus!
