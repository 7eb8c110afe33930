//! What is handed to the display: a tree of plain containers and text leaves,
//! made from the box tree.

use crate::dom::{NodeKind, NodeType};
use crate::layout::{lemma_box_trees_of, BoxKind, BoxTree, BoxType, LayoutBox};
use vstd::prelude::*;

verus! {

/// Whether Unicode counts the character as white space. This is what
/// `char::is_whitespace` answers.
pub uninterp spec fn is_white_space(c: char) -> bool;

/// `char::is_whitespace` of std. Its answer is a property of the character
/// alone, fixed by the Unicode tables that std is built with; the contract
/// gives that answer the name `is_white_space`.
#[verifier::external_body]
fn is_whitespace(c: char) -> (b: bool)
    ensures
        b == is_white_space(c),
{
    c.is_whitespace()
}

/// A node of what the display shows.
#[derive(Debug, PartialEq)]
pub enum ElementContainer {
    /// The container of an element, with the element's tag as its title.
    Titled { title: String, children: Vec<ElementContainer> },
    /// The container of an anonymous box.
    Group { children: Vec<ElementContainer> },
    /// A leaf with text in it.
    Text { text: String },
    /// A leaf that shows nothing.
    Empty,
}

/// The mathematical content of an `ElementContainer`.
pub enum ContainerTree {
    Titled { title: Seq<char>, children: Seq<ContainerTree> },
    Group { children: Seq<ContainerTree> },
    Text { text: Seq<char> },
    Empty,
}

/// The tree that a container stands for.
pub open spec fn container_tree_of(container: ElementContainer) -> ContainerTree
    decreases container,
{
    match container {
        ElementContainer::Titled { title, children } => ContainerTree::Titled {
            title: title@,
            children: container_trees_of(children@),
        },
        ElementContainer::Group { children } => ContainerTree::Group {
            children: container_trees_of(children@),
        },
        ElementContainer::Text { text } => ContainerTree::Text { text: text@ },
        ElementContainer::Empty => ContainerTree::Empty,
    }
}

/// The trees that a list of containers stands for.
pub open spec fn container_trees_of(containers: Seq<ElementContainer>) -> Seq<ContainerTree>
    decreases containers,
{
    if containers.len() == 0 {
        Seq::empty()
    } else {
        container_trees_of(containers.drop_last()).push(container_tree_of(containers.last()))
    }
}

impl View for ElementContainer {
    type V = ContainerTree;

    open spec fn view(&self) -> ContainerTree {
        container_tree_of(*self)
    }
}

/// The text without its line feeds.
pub open spec fn without_line_feeds(text: Seq<char>) -> Seq<char> {
    text.filter(|c: char| c != '\n')
}

/// The text without the white space at its start.
pub open spec fn trim_start(text: Seq<char>) -> Seq<char>
    decreases text.len(),
{
    if text.len() > 0 && is_white_space(text[0]) {
        trim_start(text.skip(1))
    } else {
        text
    }
}

/// The text without the white space at its end.
pub open spec fn trim_end(text: Seq<char>) -> Seq<char>
    decreases text.len(),
{
    if text.len() > 0 && is_white_space(text.last()) {
        trim_end(text.drop_last())
    } else {
        text
    }
}

/// What is shown of a text node's data: the data without its line feeds, and
/// then without the white space at its two ends.
pub open spec fn shown_text(data: Seq<char>) -> Seq<char> {
    trim_end(trim_start(without_line_feeds(data)))
}

/// The leaf of a text node: empty where nothing of the text is shown.
pub open spec fn text_leaf(data: Seq<char>) -> ContainerTree {
    if shown_text(data).len() == 0 {
        ContainerTree::Empty
    } else {
        ContainerTree::Text { text: shown_text(data) }
    }
}

/// The container of a box that a node of this kind stands behind. A text
/// node's box gives a leaf, whatever is inside the box.
pub open spec fn node_container(node: NodeKind, children: Seq<ContainerTree>) -> ContainerTree {
    match node {
        NodeKind::Element { tag_name, .. } => ContainerTree::Titled { title: tag_name, children },
        NodeKind::Text { data } => text_leaf(data),
    }
}

/// The container of a box.
pub open spec fn container_of(layout: BoxTree) -> ContainerTree
    decreases layout,
{
    match layout.kind {
        BoxKind::Anonymous => ContainerTree::Group { children: containers_of(layout.children) },
        BoxKind::Block { node, .. } => node_container(node, containers_of(layout.children)),
        BoxKind::Inline { node, .. } => node_container(node, containers_of(layout.children)),
    }
}

/// The containers of the boxes, one for each.
pub open spec fn containers_of(boxes: Seq<BoxTree>) -> Seq<ContainerTree>
    decreases boxes,
{
    if boxes.len() == 0 {
        Seq::empty()
    } else {
        containers_of(boxes.drop_last()).push(container_of(boxes.last()))
    }
}

/// Trimming at the start skips a prefix of white space.
proof fn lemma_trim_start_skip(text: Seq<char>, n: int)
    requires
        0 <= n <= text.len(),
        forall|i: int| 0 <= i < n ==> is_white_space(#[trigger] text[i]),
    ensures
        trim_start(text) == trim_start(text.skip(n)),
    decreases n,
{
    if n > 0 {
        assert(text.skip(1).skip(n - 1) =~= text.skip(n));
        assert forall|i: int| 0 <= i < n - 1 implies is_white_space(
            #[trigger] text.skip(1)[i],
        ) by {
            assert(text.skip(1)[i] == text[i + 1]);
        }
        lemma_trim_start_skip(text.skip(1), n - 1);
    } else {
        assert(text.skip(0) =~= text);
    }
}

/// Trimming at the end drops a suffix of white space.
proof fn lemma_trim_end_take(text: Seq<char>, n: int)
    requires
        0 <= n <= text.len(),
        forall|i: int| n <= i < text.len() ==> is_white_space(#[trigger] text[i]),
    ensures
        trim_end(text) == trim_end(text.take(n)),
    decreases text.len() - n,
{
    if n < text.len() {
        assert(text.drop_last().take(n) =~= text.take(n));
        assert forall|i: int| n <= i < text.drop_last().len() implies is_white_space(
            #[trigger] text.drop_last()[i],
        ) by {
            assert(text.drop_last()[i] == text[i]);
        }
        lemma_trim_end_take(text.drop_last(), n);
    } else {
        assert(text.take(n) =~= text);
    }
}

/// What is shown of the text.
pub fn visible_text(data: &str) -> (shown: String)
    ensures
        shown@ == shown_text(data@),
{
    let mut kept: Vec<char> = Vec::new();
    for c in it: data.chars()
        invariant
            it.seq() == data@,
            kept@ == without_line_feeds(data@.take(it.index() as int)),
    {
        proof {
            let done = it.index() as int;
            assert(data@.take(done + 1).drop_last() =~= data@.take(done));
            assert(data@.take(done + 1).last() == c);
            reveal(Seq::filter);
        }
        if c != '\n' {
            kept.push(c);
        }
    }
    proof {
        assert(data@.take(data@.len() as int) =~= data@);
    }
    let mut start: usize = 0;
    while start < kept.len() && is_whitespace(kept[start])
        invariant
            start <= kept.len(),
            forall|i: int| 0 <= i < start ==> is_white_space(#[trigger] kept@[i]),
        decreases kept.len() - start,
    {
        start += 1;
    }
    let mut end: usize = kept.len();
    while end > start && is_whitespace(kept[end - 1])
        invariant
            start <= end <= kept.len(),
            forall|i: int| end <= i < kept.len() ==> is_white_space(#[trigger] kept@[i]),
        decreases end,
    {
        end -= 1;
    }
    proof {
        let after = kept@.skip(start as int);
        lemma_trim_start_skip(kept@, start as int);
        assert(trim_start(kept@) == after) by {
            if start < kept.len() {
                assert(after[0] == kept@[start as int]);
            }
        }
        assert forall|i: int| end - start <= i < after.len() implies is_white_space(
            #[trigger] after[i],
        ) by {
            assert(after[i] == kept@[i + start]);
        }
        lemma_trim_end_take(after, end - start);
        assert(after.take(end - start) =~= kept@.subrange(start as int, end as int));
        assert(trim_end(kept@.subrange(start as int, end as int)) == kept@.subrange(
            start as int,
            end as int,
        )) by {
            if start < end {
                assert(kept@.subrange(start as int, end as int).last() == kept@[end - 1]);
            }
        }
    }
    let mut shown = String::new();
    let mut i: usize = start;
    while i < end
        invariant
            start <= i <= end <= kept.len(),
            shown@ == kept@.subrange(start as int, i as int),
        decreases end - i,
    {
        shown.push(kept[i]);
        assert(kept@.subrange(start as int, i + 1) =~= kept@.subrange(start as int, i as int).push(
            kept@[i as int],
        ));
        i += 1;
    }
    shown
}

/// A container that shows nothing.
pub fn new_element_container() -> (container: ElementContainer)
    ensures
        container@ == ContainerTree::Empty,
{
    ElementContainer::Empty
}

/// The container of a box that the node stands behind.
fn container_of_node(node: &NodeType, children: Vec<ElementContainer>) -> (container:
    ElementContainer)
    ensures
        container@ == node_container(node@, container_trees_of(children@)),
{
    match node {
        NodeType::Element(element) => ElementContainer::Titled {
            title: element.tag_name.clone(),
            children,
        },
        NodeType::Text(text) => {
            let shown = visible_text(text.data.as_str());
            if shown.as_str().unicode_len() == 0 {
                ElementContainer::Empty
            } else {
                ElementContainer::Text { text: shown }
            }
        },
    }
}

/// The container of a box: a titled container for an element's box, a group
/// for an anonymous box, a leaf for a text node's box.
pub fn to_element_container<'a>(layout: LayoutBox<'a>) -> (container: ElementContainer)
    ensures
        container@ == container_of(layout@),
    decreases layout,
{
    let ghost boxes = layout@.children;
    proof {
        lemma_box_trees_of(layout.children@);
    }
    let LayoutBox { box_type, children } = layout;
    let mut inner: Vec<ElementContainer> = Vec::new();
    proof {
        assert(boxes.take(0) =~= Seq::<BoxTree>::empty());
    }
    for child in it: children
        invariant
            boxes.len() == it.seq().len(),
            forall|j: int| 0 <= j < boxes.len() ==> (#[trigger] boxes[j]) == it.seq()[j]@,
            forall|j: int|
                0 <= j < it.seq().len() ==> decreases_to!(layout => #[trigger] it.seq()[j]),
            container_trees_of(inner@) == containers_of(boxes.take(it.index() as int)),
    {
        let ghost index = it.index() as int;
        let ghost before = inner@;
        proof {
            let next = boxes.take(index + 1);
            assert(next.drop_last() =~= boxes.take(index));
            assert(next.last() == boxes[index]);
        }
        let made = to_element_container(child);
        inner.push(made);
        assert(inner@.drop_last() =~= before);
    }
    proof {
        assert(boxes.take(boxes.len() as int) =~= boxes);
    }
    match box_type {
        BoxType::AnonymousBox => ElementContainer::Group { children: inner },
        BoxType::BlockBox(props) => container_of_node(props.node_type, inner),
        BoxType::InlineBox(props) => container_of_node(props.node_type, inner),
    }
}

} // verus!
